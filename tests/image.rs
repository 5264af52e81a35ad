use rustbitmap::bit_depth::BitDepth;
use rustbitmap::error::BitmapError;
use rustbitmap::image::BitMap;
use rustbitmap::rgba::Rgba;

fn patterned(width: u32, height: u32) -> BitMap {
    let mut pixels = Vec::new();
    for i in 0..width * height {
        pixels.push(Rgba::rgba((i * 37 % 256) as u8, (i * 11 % 256) as u8, (i * 5 % 256) as u8, (i % 101) as u8));
    }
    BitMap::create(width, height, pixels).unwrap()
}

#[test]
fn get_correct_step_counter() {
    assert_eq!(BitDepth::Color2Bit.get_step_counter(), 1);
    assert_eq!(BitDepth::Color16Bit.get_step_counter(), 4);
    assert_eq!(BitDepth::Color256Bit.get_step_counter(), 8);
    assert_eq!(BitDepth::AllColors.get_step_counter(), 3);
    assert_eq!(BitDepth::AllColorsAndShades.get_step_counter(), 4);
}

#[test]
fn get_correct_suggested_bit_depth() {
    let mut bitmap = BitMap::new(256, 1);
    assert!(BitDepth::Color2Bit == BitDepth::get_suggested_bit_depth(&bitmap));

    for x in 0..2 {
        bitmap
            .set_pixel(x, 0, Rgba::rgb(x as u8, x as u8, x as u8))
            .unwrap();
    }
    assert!(BitDepth::Color16Bit == BitDepth::get_suggested_bit_depth(&bitmap));

    for x in 0..15 {
        bitmap
            .set_pixel(x, 0, Rgba::rgb(x as u8, x as u8, x as u8))
            .unwrap();
    }
    assert!(BitDepth::Color16Bit == BitDepth::get_suggested_bit_depth(&bitmap));
    bitmap.set_pixel(15, 0, Rgba::rgb(16, 16, 16)).unwrap();
    assert!(BitDepth::Color256Bit == BitDepth::get_suggested_bit_depth(&bitmap));

    for x in 0..bitmap.get_width() {
        bitmap
            .set_pixel(x, 0, Rgba::rgb(x as u8, x as u8, x as u8))
            .unwrap();
    }
    assert!(BitDepth::Color256Bit == BitDepth::get_suggested_bit_depth(&bitmap));

    bitmap.set_pixel(15, 0, Rgba::rgba(16, 16, 16, 0)).unwrap();
    assert!(BitDepth::Color256Bit == BitDepth::get_suggested_bit_depth(&bitmap));
}

#[test]
fn suggested_depth_for_many_colors() {
    let mut pixels = Vec::new();
    for i in 0..257u32 {
        pixels.push(Rgba::rgb((i % 256) as u8, (i / 256) as u8, 0));
    }
    let mut b = BitMap::create(257, 1, pixels).unwrap();
    assert!(BitDepth::get_suggested_bit_depth(&b) == BitDepth::AllColors);
    b.set_pixel(0, 0, Rgba::rgba(9, 9, 9, 50)).unwrap();
    assert!(BitDepth::get_suggested_bit_depth(&b) == BitDepth::AllColorsAndShades);
    let two = BitMap::create(2, 1, vec![Rgba::black(), Rgba::white()]).unwrap();
    assert!(BitDepth::get_suggested_bit_depth(&two) == BitDepth::Color2Bit);
}

#[test]
fn not_enough_pixels_to_create_image() {
    let b = BitMap::create(2, 2, Vec::new());
    assert!(b.is_err());
}

#[test]
fn get_all_unique_colors() {
    let result = BitMap::new(100, 100).get_all_unique_colors();
    assert_eq!(result.len(), 1);
}

#[test]
fn is_image_transparent() {
    let mut test1 = BitMap::new(10, 10);
    test1.set_pixel(0, 0, Rgba::rgba(0, 0, 0, 0)).unwrap();
    assert_eq!(true, test1.is_image_transparent());

    test1.set_pixel(0, 0, Rgba::rgba(0, 0, 0, 99)).unwrap();
    assert_eq!(true, test1.is_image_transparent());

    let test2 = BitMap::new(10, 10);
    assert_eq!(false, test2.is_image_transparent());
}

#[test]
fn try_to_save_bitmap_made_in_memory() {
    let result = BitMap::new(10, 10).save();
    assert!(result.is_err());
}

#[test]
fn crop_image_bigger_then_image() {
    let image = BitMap::new(10, 10);
    let crop = image.crop(0, 0, 11, 11);
    assert!(crop.is_err());
}

#[test]
fn crop_image_negatively() {
    let image = BitMap::new(10, 10);
    let crop = image.crop(5, 5, 0, 0);
    assert!(crop.is_err());
}

#[test]
fn crop_errors_have_their_kinds() {
    let image = BitMap::new(10, 10);
    assert_eq!(image.crop(5, 5, 0, 0).err(), Some(BitmapError::InvalidArgument));
    assert_eq!(image.crop(0, 0, 11, 11).err(), Some(BitmapError::OutOfBounds));
    let empty = image.crop(3, 3, 3, 8).ok().unwrap();
    assert_eq!((empty.get_width(), empty.get_height()), (0, 0));
}

#[test]
fn crop_takes_the_rectangle_counted_from_the_top() {
    let image = patterned(5, 4);
    let c = image.crop(1, 2, 4, 4).ok().unwrap();
    assert_eq!((c.get_width(), c.get_height()), (3, 2));
    for x in 0..3 {
        for y in 0..2 {
            assert!(c.get_pixel(x, y) == image.get_pixel(x + 1, y + 2));
        }
    }
}

#[test]
fn cant_set_pixel_outside_of_image() {
    let mut image = BitMap::new(10, 10);
    assert!(image.set_pixel(10, 10, Rgba::black()).is_err());
    assert!(image.set_pixel(1000, 1000, Rgba::black()).is_err());
}

#[test]
fn cant_get_pixel_outside_of_image() {
    let image = BitMap::new(10, 10);
    assert!(image.get_pixel(10, 10).is_none());
    assert!(image.get_pixel(20, 20).is_none());
}

#[test]
fn can_get_pixel_inside_of_image() {
    let image = BitMap::new(100, 100);
    assert!(image.get_pixel(0, 0).is_some());
    assert!(image.get_pixel(0, 99).is_some());
    assert!(image.get_pixel(99, 0).is_some());
    assert!(image.get_pixel(99, 99).is_some());
}

#[test]
fn set_pixel_error_kind_and_storage_order() {
    let mut image = BitMap::new(3, 2);
    assert_eq!(image.set_pixel(3, 0, Rgba::black()), Err(BitmapError::OutOfBounds));
    image.set_pixel(0, 0, Rgba::black()).unwrap();
    // the top row is stored last
    assert!(image.get_pixels()[3] == Rgba::black());
    assert!(image.get_pixel(0, 0) == Some(&Rgba::black()));
}

#[test]
fn image_being_pasted_does_not_fit() {
    let mut image = BitMap::new(10, 10);
    let paste = BitMap::new(20, 20);
    assert!(image.paste(&paste, 0, 0).is_err());
}

#[test]
fn paste_past_the_edge_changes_nothing() {
    let mut image = patterned(4, 4);
    let before = image.get_pixels().clone();
    let small = BitMap::new(2, 2);
    assert_eq!(image.paste(&small, 3, 0), Err(BitmapError::OutOfBounds));
    assert_eq!(image.paste(&small, 0, 3), Err(BitmapError::OutOfBounds));
    assert!(image.get_pixels() == &before);
}

#[test]
fn image_correctly_pastes_image() {
    let red = Rgba::rgb(255, 0, 0);
    let green = Rgba::rgb(0, 255, 0);
    let mut image = BitMap::new(2, 2);
    let mut small_image = BitMap::new(2, 1);
    small_image.set_pixel(0, 0, red).unwrap();
    small_image.set_pixel(1, 0, green).unwrap();
    let result = image.paste(&small_image, 0, 0);
    assert!(result.is_ok());
    assert!(image.get_pixel(0, 0).unwrap() == &red);
    assert!(image.get_pixel(1, 0).unwrap() == &green);
}

#[test]
fn paste_at_an_offset() {
    let mut image = BitMap::new(4, 3);
    let small = patterned(2, 2);
    image.paste(&small, 1, 1).unwrap();
    for x in 0..4 {
        for y in 0..3 {
            if (1..3).contains(&x) && (1..3).contains(&y) {
                assert!(image.get_pixel(x, y) == small.get_pixel(x - 1, y - 1));
            } else {
                assert!(image.get_pixel(x, y) == Some(&Rgba::white()));
            }
        }
    }
}

#[test]
fn colored_image_correctly_converts_to_gray_scale() {
    let mut image = BitMap::new(2, 2);
    image.set_pixel(0, 0, Rgba::rgb(255, 0, 0)).unwrap();
    image.set_pixel(1, 0, Rgba::rgb(0, 255, 0)).unwrap();
    image.set_pixel(0, 1, Rgba::rgb(0, 0, 255)).unwrap();
    image.set_pixel(1, 1, Rgba::rgb(0, 0, 0)).unwrap();
    image.color_to_gray();
    assert!(image.get_pixel(0, 0).unwrap() == &Rgba::rgb(54, 54, 54));
    assert!(image.get_pixel(1, 0).unwrap() == &Rgba::rgb(182, 182, 182));
    assert!(image.get_pixel(0, 1).unwrap() == &Rgba::rgb(18, 18, 18));
    assert!(image.get_pixel(1, 1).unwrap() == &Rgba::black());
}

#[test]
fn replace_all_color() {
    let mut image = BitMap::new(10, 10);
    image.replace_all_color(Rgba::white(), Rgba::black());
    for x in 0..10 {
        for y in 0..10 {
            assert!(image.get_pixel(x, y).unwrap() == &Rgba::black());
        }
    }
}

#[test]
fn replace_leaves_other_colors() {
    let mut image = BitMap::new(3, 1);
    image.set_pixel(1, 0, Rgba::rgb(1, 1, 1)).unwrap();
    image.replace_all_color(Rgba::white(), Rgba::black());
    assert!(image.get_pixel(0, 0) == Some(&Rgba::black()));
    assert!(image.get_pixel(1, 0) == Some(&Rgba::rgb(1, 1, 1)));
}

#[test]
fn fill_region_out_side_of_image() {
    let mut image = BitMap::new(10, 10);
    assert!(image.fill_region(10, 10, Rgba::black()).is_err());
}

#[test]
fn fill_region_inside_of_image() {
    let mut image = BitMap::new(10, 10);
    for x in 0..10 {
        for y in 0..10 {
            if (x < 2 || x > 7) || (y < 2 || y > 7) {
                image.set_pixel(x, y, Rgba::black()).unwrap();
                println!("{} {}", x, y);
            }
        }
    }
    image.fill_region(5, 5, Rgba::black()).unwrap();
    for x in 0..10 {
        for y in 0..10 {
            assert!(image.get_pixel(x, y).unwrap() == &Rgba::black());
        }
    }
}

#[test]
fn fill_stops_at_other_colors_and_does_not_wrap() {
    // a wall in column 2 splits the image; rows must not wrap into each other
    let mut image = BitMap::new(5, 3);
    for y in 0..3 {
        image.set_pixel(2, y, Rgba::black()).unwrap();
    }
    let red = Rgba::rgb(255, 0, 0);
    image.fill_region(0, 1, red).unwrap();
    for y in 0..3 {
        for x in 0..5 {
            let expected = if x < 2 { red } else if x == 2 { Rgba::black() } else { Rgba::white() };
            assert!(image.get_pixel(x, y) == Some(&expected), "{} {}", x, y);
        }
    }
    assert_eq!(image.fill_region(5, 0, red), Err(BitmapError::OutOfBounds));
}

#[test]
fn fill_with_the_same_color_ends() {
    let mut image = BitMap::new(6, 6);
    image.fill_region(2, 2, Rgba::white()).unwrap();
    assert_eq!(image.get_all_unique_colors(), vec![Rgba::white()]);
}

#[test]
fn test_resize_to() {
    let mut bitmap = BitMap::new(2, 2);
    bitmap.resize_to(10, 10);
    assert_eq!(bitmap.get_width(), 10);
    assert_eq!(bitmap.get_height(), 10);
}

#[test]
fn test_fast_resize_to() {
    let mut bitmap = BitMap::new(2, 2);
    bitmap.fast_resize_to(10, 10);
    assert_eq!(bitmap.get_width(), 10);
    assert_eq!(bitmap.get_height(), 10);
}

#[test]
fn test_slow_resize_to() {
    let mut bitmap = BitMap::new(2, 2);
    bitmap.slow_resize_to(10, 10);
    assert_eq!(bitmap.get_width(), 10);
    assert_eq!(bitmap.get_height(), 10);
}

#[test]
fn resizing_to_the_same_size_keeps_every_pixel() {
    let original = patterned(7, 5);
    let mut a = patterned(7, 5);
    a.fast_resize_to(7, 5);
    assert!(a.get_pixels() == original.get_pixels());
    let mut b = patterned(7, 5);
    b.resize_to(7, 5);
    assert!(b.get_pixels() == original.get_pixels());
    let mut c = patterned(7, 5);
    c.slow_resize_to(7, 5);
    assert!(c.get_pixels() == original.get_pixels());
    let mut d = patterned(1, 1);
    d.slow_resize(1, 1);
    assert!(d.get_pixels() == patterned(1, 1).get_pixels());
}

#[test]
fn nearest_neighbor_doubles_pixels() {
    let mut b = BitMap::create(2, 1, vec![Rgba::black(), Rgba::white()]).unwrap();
    b.fast_resize_to(4, 2);
    let p = b.get_pixels();
    assert!(p[0] == Rgba::black() && p[1] == Rgba::black());
    assert!(p[2] == Rgba::white() && p[3] == Rgba::white());
    assert!(p[4] == Rgba::black() && p[7] == Rgba::white());
}

#[test]
fn bilinear_blends_between_pixels() {
    let mut b = BitMap::create(2, 1, vec![Rgba::black(), Rgba::white()]).unwrap();
    b.resize_to(3, 1);
    let p = b.get_pixels();
    assert!(p[0] == Rgba::black());
    assert!(p[1] == Rgba::rgb(128, 128, 128));
    assert!(p[2] == Rgba::white());
}

#[test]
fn bicubic_keeps_ends_and_interpolates_middle() {
    let mut b = BitMap::create(2, 1, vec![Rgba::black(), Rgba::white()]).unwrap();
    b.slow_resize_to(3, 1);
    let p = b.get_pixels();
    assert!(p[0] == Rgba::black());
    // taps (0, 0, 255, 255) at 1/2: (9 * 255 - 255) / 16 = 127.5 -> 128
    assert!(p[1] == Rgba::rgb(128, 128, 128));
    assert!(p[2] == Rgba::white());
}

#[test]
fn resizing_an_empty_image_to_empty() {
    let mut b = BitMap::new(0, 0);
    b.resize_to(0, 5);
    assert_eq!((b.get_width(), b.get_height(), b.get_size()), (0, 5, 0));
}

#[test]
fn rotate_image_left() {
    let gray = Rgba::rgb(127, 127, 127);
    let red = Rgba::rgb(255, 0, 0);
    let pixels = vec![gray, Rgba::white(), Rgba::black(), red];
    let mut bitmap = BitMap::create(4, 1, pixels).unwrap();
    let temp_width = bitmap.get_width();
    let temp_height = bitmap.get_height();
    bitmap.rotate_left();
    assert_eq!(temp_width, bitmap.get_height());
    assert_eq!(temp_height, bitmap.get_width());
    assert!(bitmap.get_pixel(0, 0).unwrap() == &red);
    assert!(bitmap.get_pixel(0, 1).unwrap() == &Rgba::black());
    assert!(bitmap.get_pixel(0, 2).unwrap() == &Rgba::white());
    assert!(bitmap.get_pixel(0, 3).unwrap() == &gray);
}

#[test]
fn rotate_image_right() {
    let gray = Rgba::rgb(127, 127, 127);
    let red = Rgba::rgb(255, 0, 0);
    let pixels = vec![gray, Rgba::white(), Rgba::black(), red];
    let mut bitmap = BitMap::create(4, 1, pixels).unwrap();
    let temp_width = bitmap.get_width();
    let temp_height = bitmap.get_height();
    bitmap.rotate_right();
    assert_eq!(temp_width, bitmap.get_height());
    assert_eq!(temp_height, bitmap.get_width());
    assert!(bitmap.get_pixel(0, 3).unwrap() == &red);
    assert!(bitmap.get_pixel(0, 2).unwrap() == &Rgba::black());
    assert!(bitmap.get_pixel(0, 1).unwrap() == &Rgba::white());
    assert!(bitmap.get_pixel(0, 0).unwrap() == &gray);
}

#[test]
fn four_right_turns_give_the_image_back() {
    let original = patterned(3, 2);
    let mut b = patterned(3, 2);
    for _ in 0..4 {
        b.rotate_right();
    }
    assert!(b.get_pixels() == original.get_pixels());
    b.rotate_left();
    b.rotate_right();
    assert!(b.get_pixels() == original.get_pixels());
}
