use rustbitmap::bit_data::BitData;
use rustbitmap::bit_depth::BitDepth;
use rustbitmap::edit::crop_window;
use rustbitmap::error::BitmapError;
use rustbitmap::file::File;
use rustbitmap::file_data::FileData;
use rustbitmap::file_header::FileHeader;
use rustbitmap::image::BitMap;
use rustbitmap::info_header::InfoHeader;
use rustbitmap::pixel_data::PixelData;
use rustbitmap::rgb_quad::RgbQuad;
use rustbitmap::rgba::Rgba;
use rustbitmap::util::{byte_slice_to_u16, byte_slice_to_u32};

const ALL_DEPTHS: [BitDepth; 5] = [
    BitDepth::Color2Bit,
    BitDepth::Color16Bit,
    BitDepth::Color256Bit,
    BitDepth::AllColors,
    BitDepth::AllColorsAndShades,
];

fn image_with_colors(width: u32, height: u32, colors: u32) -> BitMap {
    let mut pixels = Vec::new();
    for i in 0..width * height {
        let c = i % colors;
        pixels.push(Rgba::rgb((c % 256) as u8, (c / 256) as u8, 7));
    }
    BitMap::create(width, height, pixels).unwrap()
}

#[test]
fn get_length_of_bit_data_length_2_bit_depth() {
    // each 10-pixel row takes 2 bytes of bits, padded to 4
    let b = BitMap::new(10, 10);
    let data = BitData::from_bitmap(&b, BitDepth::Color2Bit);
    assert_eq!(data.len(), 40);
    assert_eq!(data.get_bytes_size(), 40);
    let b = BitMap::new(1, 1);
    let data = BitData::from_bitmap(&b, BitDepth::Color2Bit);
    assert_eq!(data.len(), 4);
    assert_eq!(data.get_bytes_size(), 4);
}

#[test]
fn get_length_of_bit_data_length_16_bit_depth() {
    let b = BitMap::new(10, 10);
    let data = BitData::from_bitmap(&b, BitDepth::Color16Bit);
    assert_eq!(data.len(), 80);
    assert_eq!(data.get_bytes_size(), 80);
    let b = BitMap::new(1, 1);
    let data = BitData::from_bitmap(&b, BitDepth::Color16Bit);
    assert_eq!(data.len(), 4);
    assert_eq!(data.get_bytes_size(), 4);
}

#[test]
fn get_length_of_bit_data_length_256_bit_depth() {
    // each 10-pixel row takes 10 bytes, padded to 12
    let b = BitMap::new(10, 10);
    let data = BitData::from_bitmap(&b, BitDepth::Color256Bit);
    assert_eq!(data.len(), 120);
    assert_eq!(data.get_bytes_size(), 120);
    let b = BitMap::new(1, 1);
    let data = BitData::from_bitmap(&b, BitDepth::Color256Bit);
    assert_eq!(data.len(), 4);
    assert_eq!(data.get_bytes_size(), 4);
}

#[test]
fn get_bit_data_as_rgb_bit_depth_2() {
    let b = BitMap::new(10, 10);
    let data = BitData::from_bitmap(&b, BitDepth::Color2Bit);
    let colors = data.as_rgba();
    for i in 0..b.get_size() {
        assert!(&colors[i as usize] == &Rgba::white());
    }

    let mut b = BitMap::new(2, 1);
    b.set_pixel(0, 0, Rgba::black()).unwrap();
    let data = BitData::from_bitmap(&b, BitDepth::Color2Bit);
    let colors = data.as_rgba();
    assert!(&colors[0] == &Rgba::black());
    assert!(&colors[1] == &Rgba::white());
}

#[test]
fn get_bit_data_as_rgb_bit_depth_16() {
    let b = BitMap::new(10, 10);
    let data = BitData::from_bitmap(&b, BitDepth::Color16Bit);
    let colors = data.as_rgba();
    for i in 0..b.get_size() {
        assert!(&colors[i as usize] == &Rgba::white());
    }

    let mut b = BitMap::new(4, 1);
    b.set_pixel(0, 0, Rgba::black()).unwrap();
    b.set_pixel(1, 0, Rgba::rgb(255, 0, 0)).unwrap();
    b.set_pixel(2, 0, Rgba::rgb(0, 0, 255)).unwrap();
    let data = BitData::from_bitmap(&b, BitDepth::Color16Bit);
    let colors = data.as_rgba();
    assert!(&colors[0] == &Rgba::black());
    assert!(&colors[1] == &Rgba::rgb(255, 0, 0));
    assert!(&colors[2] == &Rgba::rgb(0, 0, 255));
    assert!(&colors[3] == &Rgba::white());
}

#[test]
fn get_bit_data_as_rgb_bit_depth_256() {
    let b = BitMap::new(10, 10);
    let data = BitData::from_bitmap(&b, BitDepth::Color256Bit);
    let colors = data.as_rgba();
    for i in 0..b.get_size() {
        assert!(&colors[i as usize] == &Rgba::white());
    }
}

#[test]
fn get_bit_data_as_bytes() {
    let b = BitMap::new(10, 10);

    let data = BitData::from_bitmap(&b, BitDepth::Color2Bit);
    for i in 0..data.as_bytes().len() {
        assert!(data.as_bytes()[i] == 0);
    }
    let data = BitData::from_bitmap(&b, BitDepth::Color16Bit);
    for i in 0..data.as_bytes().len() {
        assert!(data.as_bytes()[i] == 0);
    }
    let data = BitData::from_bitmap(&b, BitDepth::Color256Bit);
    for i in 0..data.as_bytes().len() {
        assert!(data.as_bytes()[i] == 0);
    }
}

#[test]
fn packed_bits_go_most_significant_first() {
    // 1 bit per pixel: black is index 0, white index 1
    let pixels = vec![Rgba::black(), Rgba::white(), Rgba::white(), Rgba::black(), Rgba::white()];
    let b = BitMap::create(5, 1, pixels).unwrap();
    let data = BitData::from_bitmap(&b, BitDepth::Color2Bit);
    assert_eq!(data.as_bytes(), vec![0b0110_1000, 0, 0, 0]);
    // 4 bits per pixel: first pixel in the high nibble
    let pixels = vec![Rgba::black(), Rgba::white(), Rgba::rgb(1, 2, 3)];
    let b = BitMap::create(3, 1, pixels).unwrap();
    let data = BitData::from_bitmap(&b, BitDepth::Color16Bit);
    assert_eq!(data.as_bytes(), vec![0x01, 0x20, 0, 0]);
}

#[test]
fn direct_color_bytes_are_blue_green_red() {
    let pixels = vec![Rgba::rgba(1, 2, 3, 40), Rgba::rgb(4, 5, 6)];
    let b = BitMap::create(2, 1, pixels).unwrap();
    let data = PixelData::from_bitmap(&b, BitDepth::AllColors);
    assert_eq!(data.as_bytes(), vec![3, 2, 1, 6, 5, 4, 0, 0]);
    let data = PixelData::from_bitmap(&b, BitDepth::AllColorsAndShades);
    assert_eq!(data.as_bytes(), vec![3, 2, 1, 40, 6, 5, 4, 100]);
}

#[test]
fn get_length_of_pixel_data_from_bitmap() {
    let b = BitMap::new(10, 10);
    let data = PixelData::from_bitmap(&b, BitDepth::AllColors);
    assert_eq!(data.len(), 100);
}

#[test]
fn get_size_of_bytes_in_pixel_data() {
    let b = BitMap::new(10, 10);
    let data = PixelData::from_bitmap(&b, BitDepth::AllColors);
    assert_eq!(data.get_bytes_size(), 320);
    let b = BitMap::new(546, 879);
    let data = PixelData::from_bitmap(&b, BitDepth::AllColors);
    assert_eq!(data.get_bytes_size(), 1441560);
}

#[test]
fn get_pixel_data_as_rgb() {
    let b = BitMap::new(10, 10);
    let data = PixelData::from_bitmap(&b, BitDepth::AllColors);
    let colors = data.as_rgba();
    for c in &colors {
        assert!(c == &Rgba::white());
    }
}

#[test]
fn every_encoded_row_is_a_multiple_of_four_bytes() {
    for width in 1..40u32 {
        let b = image_with_colors(width, 3, 2);
        for d in ALL_DEPTHS.iter() {
            let f = File::create(&b, *d);
            let bytes = f.to_bytes();
            let colors = match d {
                BitDepth::Color2Bit | BitDepth::Color16Bit | BitDepth::Color256Bit => 2,
                _ => 0,
            };
            let data_len = bytes.len() - 54 - 4 * colors;
            assert_eq!(data_len % 3, 0);
            let row = data_len / 3;
            assert_eq!(row % 4, 0, "width {} depth {:?}", width, d);
        }
    }
}

#[test]
fn round_trip_at_every_depth_that_holds_the_colors() {
    for (colors, depths) in [
        (1u32, vec![0usize, 1, 2, 3, 4]),
        (2, vec![0, 1, 2, 3, 4]),
        (16, vec![1, 2, 3, 4]),
        (256, vec![2, 3, 4]),
        (300, vec![3, 4]),
    ] {
        let b = image_with_colors(20, 17, colors);
        for i in depths {
            let d = ALL_DEPTHS[i];
            let bytes = File::create(&b, d).to_bytes();
            let back = BitMap::read("round.bmp", &bytes).unwrap();
            assert_eq!(back.get_width(), 20);
            assert_eq!(back.get_height(), 17);
            assert!(back.get_pixels() == b.get_pixels(), "{} colors at {:?}", colors, d);
            let again = File::create(&back, d).to_bytes();
            assert!(again == bytes);
        }
    }
}

#[test]
fn transparent_pixels_round_trip_at_32_bits() {
    let pixels = vec![Rgba::rgba(1, 2, 3, 0), Rgba::rgba(4, 5, 6, 55), Rgba::white()];
    let b = BitMap::create(3, 1, pixels).unwrap();
    let bytes = b.to_bytes();
    let back = BitMap::read("alpha.bmp", &bytes).unwrap();
    assert!(back.get_pixels() == b.get_pixels());
    assert!(back == b);
    let mut other = BitMap::read("alpha.bmp", &bytes).unwrap();
    other.set_pixel(0, 0, Rgba::black()).unwrap();
    assert!(other != b);
}

#[test]
fn check_files_height_and_width() {
    let b = BitMap::new(10, 10);
    let f = File::create(&b, BitDepth::AllColors);
    assert_eq!(f.get_width(), 10);
    assert_eq!(f.get_height(), 10);
    let colors = f.get_bitmap_as_pixels();
    for color in &colors {
        assert!(color == &Rgba::white());
    }
}

#[test]
fn number_of_bytes_for_all_bit_depth() {
    let b = BitMap::new(2, 2);

    let file = File::create(&b, BitDepth::Color2Bit);
    assert_eq!(file.to_bytes().len(), file.calculate_file_size() as usize);

    let file = File::create(&b, BitDepth::Color16Bit);
    assert_eq!(file.to_bytes().len(), file.calculate_file_size() as usize);

    let file = File::create(&b, BitDepth::Color256Bit);
    assert_eq!(file.to_bytes().len(), file.calculate_file_size() as usize);

    let file = File::create(&b, BitDepth::AllColors);
    assert_eq!(file.to_bytes().len(), file.calculate_file_size() as usize);

    let file = File::create(&b, BitDepth::AllColorsAndShades);
    assert_eq!(file.to_bytes().len(), file.calculate_file_size() as usize);
}

#[test]
fn file_size_matches_bytes_for_small_images() {
    for (w, h) in [(2u32, 2u32), (1, 1), (0, 0), (3, 5)] {
        let b = image_with_colors(w, h, 3);
        for d in ALL_DEPTHS.iter() {
            let f = File::create(&b, *d);
            let bytes = f.to_bytes();
            assert_eq!(bytes.len(), f.calculate_file_size() as usize);
            let mut i = 2;
            assert_eq!(byte_slice_to_u32(&bytes, &mut i) as usize, bytes.len());
        }
    }
}

#[test]
fn file_header_byte_size() {
    let header = FileHeader::new(10, 10, 10);
    assert_eq!(header.as_bytes().len(), header.get_byte_size() as usize);
}

#[test]
fn file_header_fields_are_consistent() {
    let header = FileHeader::new(100, 8, 40);
    assert_eq!(header.get_off_bits(), 62);
    let bytes = header.as_bytes();
    assert_eq!(&bytes[0..2], b"BM");
    let parsed = FileHeader::from_slice(&bytes).ok().unwrap();
    assert_eq!(parsed.size, 162);
    assert_eq!(parsed.off_bits, 62);
    assert_eq!(FileHeader::estimated_byte_size(), 14);
    assert_eq!(FileHeader::from_slice_range(), 0..14);
}

#[test]
fn file_header_rejects_bad_signature_and_short_input() {
    let mut bytes = FileHeader::new(1, 0, 40).as_bytes();
    assert_eq!(FileHeader::from_slice(&bytes[0..13]).err(), Some(BitmapError::TruncatedData));
    bytes[0] = b'X';
    assert_eq!(FileHeader::from_slice(&bytes).err(), Some(BitmapError::Format));
}

#[test]
fn get_info_size_in_bytes_after_bitmap_conversion() {
    let b = BitMap::new(10, 10);
    let data = InfoHeader::from(&b, BitDepth::AllColors);
    assert_eq!(data.get_byte_size(), 40);
}

#[test]
fn get_width_and_height_after_bitmap_conversion() {
    let b = BitMap::new(10, 10);
    let data = InfoHeader::from(&b, BitDepth::AllColors);
    assert_eq!(data.get_width(), 10);
    assert_eq!(data.get_height(), 10);
}

#[test]
fn get_colors_used_after_bitmap_conversion_24_bit() {
    let b = BitMap::new(10, 10);
    let data = InfoHeader::from(&b, BitDepth::AllColors);
    assert_eq!(data.get_colors_used(), 0);
}

#[test]
fn info_header_round_trips_through_bytes() {
    let b = image_with_colors(7, 3, 5);
    let info = InfoHeader::from(&b, BitDepth::Color16Bit);
    assert_eq!(info.get_colors_used(), 5);
    assert!(info.get_bit_depth() == Some(BitDepth::Color16Bit));
    let mut file = vec![0u8; 14];
    file.extend(info.as_bytes());
    let back = InfoHeader::stream(&file);
    assert_eq!(back.get_width(), 7);
    assert_eq!(back.get_height(), 3);
    assert_eq!(back.get_colors_used(), 5);
    assert_eq!(back.bit_depth, 4);
    assert_eq!(back.planes, 1);
}

#[test]
fn little_endian_reads_move_the_index() {
    let bytes = [0x78, 0x56, 0x34, 0x12, 0xcd, 0xab];
    let mut i = 0;
    assert_eq!(byte_slice_to_u32(&bytes, &mut i), 0x1234_5678);
    assert_eq!(i, 4);
    assert_eq!(byte_slice_to_u16(&bytes, &mut i), 0xabcd);
    assert_eq!(i, 6);
}

#[test]
fn rgb_quad_byte_size() {
    let q = RgbQuad::empty();
    assert_eq!(q.get_bytes_size(), 0);
}

#[test]
fn rgb_quad_clone_colors() {
    let q = RgbQuad::empty();
    assert_eq!(q.clone_colors().len(), 0);
}

#[test]
fn rgb_quad_colors_length() {
    let q = RgbQuad::empty();
    assert_eq!(q.len(), 0);
}

#[test]
fn crating_a_rgb_quad_from_bitmap() {
    let mut b = BitMap::new(2, 2);

    let quad = RgbQuad::from(&b, BitDepth::Color2Bit);
    assert_eq!(quad.as_bytes().len(), quad.get_bytes_size() as usize);

    b.set_pixel(0, 0, Rgba::rgb(255, 0, 0)).unwrap();
    b.set_pixel(1, 0, Rgba::rgb(0, 0, 255)).unwrap();
    b.set_pixel(0, 1, Rgba::black()).unwrap();
    let quad = RgbQuad::from(&b, BitDepth::Color16Bit);
    assert_eq!(quad.as_bytes().len(), quad.get_bytes_size() as usize);

    b.resize_to(40, 40);
    let quad = RgbQuad::from(&b, BitDepth::AllColors);
    assert_eq!(quad.as_bytes().len(), quad.get_bytes_size() as usize);

    let quad = RgbQuad::from(&b, BitDepth::AllColorsAndShades);
    assert_eq!(quad.as_bytes().len(), quad.get_bytes_size() as usize);

    b.color_to_gray();
    let quad = RgbQuad::from(&b, BitDepth::Color256Bit);
    assert_eq!(quad.as_bytes().len(), quad.get_bytes_size() as usize);
}

#[test]
fn color_table_reads_back_and_rejects_bad_lengths() {
    let q = RgbQuad::from_slice(&[3, 2, 1, 50, 6, 5, 4, 200]).ok().unwrap();
    assert_eq!(q.clone_colors(), vec![Rgba::rgba(1, 2, 3, 50), Rgba::rgba(4, 5, 6, 100)]);
    assert_eq!(q.as_bytes(), vec![3, 2, 1, 50, 6, 5, 4, 100]);
    assert_eq!(RgbQuad::from_slice(&[1, 2, 3]).err(), Some(BitmapError::TruncatedData));
    assert_eq!(RgbQuad::from_slice(&vec![0u8; 4 * 257]).err(), Some(BitmapError::Format));
    assert_eq!(RgbQuad::single_rgb_quad_size(), 4);
}

#[test]
fn color_table_keeps_first_256_colors() {
    let b = image_with_colors(30, 10, 300);
    let colors = b.get_all_unique_colors();
    assert_eq!(colors.len(), 256);
    assert!(colors[0] == Rgba::rgb(0, 0, 7));
    assert!(colors[255] == Rgba::rgb(255, 0, 7));
}

#[test]
fn reading_reports_each_stage_error() {
    let b = image_with_colors(3, 2, 2);
    let good = File::create(&b, BitDepth::Color2Bit).to_bytes();
    assert_eq!(File::read(&good[0..10]).err(), Some(BitmapError::TruncatedData));
    assert_eq!(File::read(&good[0..40]).err(), Some(BitmapError::TruncatedData));
    assert_eq!(File::read(&good[0..58]).err(), Some(BitmapError::TruncatedData));
    assert_eq!(File::read(&good[0..good.len() - 1]).err(), Some(BitmapError::TruncatedData));
    let mut bad = good.clone();
    bad[1] = b'X';
    assert_eq!(File::read(&bad).err(), Some(BitmapError::Format));
    let mut bad = good.clone();
    bad[28] = 7;
    assert_eq!(File::read(&bad).err(), Some(BitmapError::Format));
    let mut bad = good.clone();
    // colors used: 1, so index 1 points past the table
    bad[46] = 1;
    bad[10] = 58;
    let mut shorter = bad[0..58].to_vec();
    shorter.extend_from_slice(&good[62..]);
    assert_eq!(File::read(&shorter).err(), Some(BitmapError::IndexOutOfRange));
    assert!(File::read(&good).is_ok());
}

#[test]
fn try_to_read_in_file_that_doesnt_end_with_bmp() {
    assert_eq!(BitMap::read("example.txt", &[]).is_err(), true);
}

#[test]
fn fails_when_reading_text_file() {
    let text = "This is just some test text";
    let bitmap = BitMap::read("test.bmp", text.as_bytes());
    assert!(bitmap.is_err());
}

#[test]
fn fails_when_reading_big_text_file() {
    let text = vec!["This is just some test text"; 100].join(" ");
    let bitmap = BitMap::read("big_test.bmp", text.as_bytes());
    assert!(bitmap.is_err());
}

#[test]
fn saving_needs_a_file_name() {
    let b = image_with_colors(4, 4, 3);
    assert_eq!(b.save().err(), Some(BitmapError::Io));
    assert_eq!(b.simplify_and_save().err(), Some(BitmapError::Io));
    let read = BitMap::read("kept.bmp", &b.to_bytes()).unwrap();
    assert_eq!(read.get_filename().map(|s| s.as_str()), Some("kept.bmp"));
    assert!(read.save().ok() == Some(b.to_bytes()));
    let simple = read.simplify_and_save().ok().unwrap();
    assert_eq!(simple[28], 4);
    assert!(simple == b.to_simplified_bytes());
}

#[test]
fn empty_image_saves_and_reads_back() {
    let b = BitMap::new(0, 0);
    let bytes = b.to_bytes();
    assert_eq!(bytes.len(), 54);
    let back = BitMap::read("empty.bmp", &bytes).unwrap();
    assert_eq!(back.get_size(), 0);
}

#[test]
fn estimated_file_size_is_24_bit_file() {
    let b = BitMap::new(10, 10);
    assert_eq!(b.get_estimated_file_size_in_bytes(), 54 + 320);
}

#[test]
fn packed_data_keeps_bytes_after_the_rows() {
    let b = image_with_colors(5, 2, 2);
    let info = InfoHeader::from(&b, BitDepth::Color2Bit);
    let colors = RgbQuad::from(&b, BitDepth::Color2Bit);
    let mut stream = BitData::from_bitmap(&b, BitDepth::Color2Bit).as_bytes();
    stream.extend_from_slice(&[9, 8, 7]);
    let data = BitData::from_slice(&stream, &info, BitDepth::Color2Bit, &colors).ok().unwrap();
    assert_eq!(data.as_bytes(), stream);
    assert_eq!(data.len(), stream.len());
    assert_eq!(data.get_bytes_size() as usize, stream.len());
    assert!(&data.as_rgba() == b.get_pixels());
    assert_eq!(
        BitData::from_slice(&stream[0..7], &info, BitDepth::Color2Bit, &colors).err(),
        Some(BitmapError::TruncatedData)
    );
}

#[test]
fn file_data_variant_follows_the_depth() {
    let b = image_with_colors(3, 3, 2);
    for d in ALL_DEPTHS.iter() {
        let info = InfoHeader::from(&b, *d);
        let colors = RgbQuad::from(&b, *d);
        let bytes = FileData::from_bitmap(&b, *d).as_bytes();
        let data = FileData::from_slice(&bytes, &info, &colors).ok().unwrap();
        let palette = matches!(d, BitDepth::Color2Bit | BitDepth::Color16Bit | BitDepth::Color256Bit);
        assert_eq!(matches!(data, FileData::Bits(_)), palette);
        assert_eq!(matches!(data, FileData::Pixels(_)), !palette);
        assert!(&data.as_rgba() == b.get_pixels());
        assert!(data.as_bytes() == bytes);
    }
}

#[test]
fn data_offset_inside_the_color_table_is_refused() {
    let b = image_with_colors(3, 2, 2);
    let mut bytes = File::create(&b, BitDepth::Color2Bit).to_bytes();
    bytes[10] = 56;
    assert_eq!(File::read(&bytes).err(), Some(BitmapError::Format));
}

#[test]
fn calculate_crop_from_0_0() {
    assert_eq!(crop_window(100, 0, 25), (0, 50));
}

#[test]
fn calculate_crop_from_100_100() {
    assert_eq!(crop_window(100, 100, 25), (50, 100));
}

#[test]
fn calculate_crop_from_50_50() {
    assert_eq!(crop_window(100, 50, 25), (25, 75));
}

#[test]
fn crop_window_never_leaves_the_axis() {
    assert_eq!(crop_window(10, 3, 20), (0, 10));
    assert_eq!(crop_window(10, 30, 2), (6, 10));
}

#[test]
fn direct_data_reencodes_to_the_same_bytes() {
    let pixels = vec![Rgba::rgba(1, 2, 3, 0), Rgba::rgba(4, 5, 6, 55), Rgba::white()];
    let b = BitMap::create(3, 1, pixels).unwrap();
    for d in [BitDepth::AllColors, BitDepth::AllColorsAndShades] {
        let bytes = File::create(&b, d).to_bytes();
        let back = BitMap::read("again.bmp", &bytes).unwrap();
        assert!(File::create(&back, d).to_bytes() == bytes);
    }
}
