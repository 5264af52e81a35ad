use vstd::prelude::*;
use crate::bit_depth::FILE_HEADER_SIZE;
use crate::error::BitmapError;
use crate::util::{byte_slice_to_u16, byte_slice_to_u32, le_u16, le_u32, push_u16, push_u32, u16_bytes, u32_bytes};

verus! {

/// The 14-byte record that opens a bitmap file.
pub struct FileHeader {
    /// Always the two letters 'B' 'M'
    pub bitmap_type: [u8; 2],
    /// The size of the file in bytes
    pub size: u32,
    pub reserved1: u16,
    pub reserved2: u16,
    /// The offset from the beginning of the file to the pixel data
    pub off_bits: u32,
}

/// The bytes of a file header.
pub open spec fn file_header_bytes(h: FileHeader) -> Seq<u8> {
    seq![h.bitmap_type[0], h.bitmap_type[1]] + u32_bytes(h.size) + u16_bytes(h.reserved1) + u16_bytes(
        h.reserved2,
    ) + u32_bytes(h.off_bits)
}

impl FileHeader {
    /// Where the file header lies in a file: bytes `0..14`.
    pub fn from_slice_range() -> (r: std::ops::Range<usize>)
        ensures
            r.start == 0,
            r.end == FILE_HEADER_SIZE,
    {
        0..14
    }

    /// Bytes that the file header takes.
    pub fn estimated_byte_size() -> (r: usize)
        ensures
            r == FILE_HEADER_SIZE,
    {
        14
    }

    /// A file header for pixel data of `data_size` bytes that follows a color
    /// table of `color_size` bytes and an info header of `info_size` bytes.
    pub fn new(data_size: u32, color_size: u32, info_size: u32) -> (r: FileHeader)
        requires
            FILE_HEADER_SIZE + info_size + color_size + data_size <= u32::MAX,
        ensures
            r.bitmap_type == [66u8, 77u8],
            r.off_bits == FILE_HEADER_SIZE + info_size + color_size,
            r.size == FILE_HEADER_SIZE + info_size + color_size + data_size,
            r.reserved1 == 0,
            r.reserved2 == 0,
    {
        let off_bits = color_size + info_size + 14;
        let size = data_size + off_bits;
        FileHeader { bitmap_type: [66u8, 77u8], size, reserved1: 0, reserved2: 0, off_bits }
    }

    /// Parse a file header from the first 14 bytes. Fails with
    /// `TruncatedData` on fewer bytes and with `Format` when the signature is
    /// not "BM".
    pub fn from_slice(bit_stream: &[u8]) -> (r: Result<FileHeader, BitmapError>)
        ensures
            bit_stream@.len() < FILE_HEADER_SIZE ==> r == Err::<FileHeader, BitmapError>(
                BitmapError::TruncatedData,
            ),
            bit_stream@.len() >= FILE_HEADER_SIZE && (bit_stream@[0] != 66 || bit_stream@[1] != 77)
                ==> r == Err::<FileHeader, BitmapError>(BitmapError::Format),
            bit_stream@.len() >= FILE_HEADER_SIZE && bit_stream@[0] == 66 && bit_stream@[1] == 77
                ==> (r matches Ok(h) && h.bitmap_type == [66u8, 77u8] && h.size == le_u32(bit_stream@, 2)
                && h.reserved1 == le_u16(bit_stream@, 6) && h.reserved2 == le_u16(bit_stream@, 8)
                && h.off_bits == le_u32(bit_stream@, 10)),
    {
        if bit_stream.len() < 14 {
            return Err(BitmapError::TruncatedData);
        }
        if bit_stream[0] != 66 || bit_stream[1] != 77 {
            return Err(BitmapError::Format);
        }
        let mut i: usize = 2;
        let size = byte_slice_to_u32(bit_stream, &mut i);
        let reserved1 = byte_slice_to_u16(bit_stream, &mut i);
        let reserved2 = byte_slice_to_u16(bit_stream, &mut i);
        let off_bits = byte_slice_to_u32(bit_stream, &mut i);
        Ok(FileHeader { bitmap_type: [66u8, 77u8], size, reserved1, reserved2, off_bits })
    }

    /// The header as the 14 bytes stored in a file
    pub fn as_bytes(&self) -> (r: Vec<u8>)
        ensures
            r@ == file_header_bytes(*self),
            r@.len() == FILE_HEADER_SIZE,
    {
        let mut bytes: Vec<u8> = Vec::new();
        bytes.push(self.bitmap_type[0]);
        bytes.push(self.bitmap_type[1]);
        push_u32(&mut bytes, self.size);
        push_u16(&mut bytes, self.reserved1);
        push_u16(&mut bytes, self.reserved2);
        push_u32(&mut bytes, self.off_bits);
        proof {
            assert(bytes@ =~= file_header_bytes(*self));
        }
        bytes
    }

    /// Bytes that the file header takes
    pub fn get_byte_size(&self) -> (r: u32)
        ensures
            r == FILE_HEADER_SIZE,
    {
        14
    }

    /// The offset from the beginning of the file to the pixel data
    pub fn get_off_bits(&self) -> (r: u32)
        ensures
            r == self.off_bits,
    {
        self.off_bits
    }
}

} // verus!
