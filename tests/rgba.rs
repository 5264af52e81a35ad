use rustbitmap::error::BitmapError;
use rustbitmap::rgba::Rgba;

#[test]
fn is_pixel_transparent() {
    let pixel = Rgba::rgba(0, 0, 0, 0);
    assert_eq!(true, pixel.is_transparent());
    let pixel1 = Rgba::rgba(0, 0, 0, 99);
    assert_eq!(true, pixel1.is_transparent());
    let pixel2 = Rgba::rgba(0, 0, 0, 100);
    assert_eq!(false, pixel2.is_transparent());
    let pixel3 = Rgba::rgba(0, 0, 0, 101);
    assert_eq!(false, pixel3.is_transparent());
}

#[test]
fn test_blur_sent_bad_factors() {
    let white = Rgba::white();
    let black = Rgba::black();
    let linear_interpolation = Rgba::linear_interpolation(&white, 1, &black, 1, 1);
    assert!(linear_interpolation.is_err());
}

#[test]
fn test_blur_two_whites() {
    let white1 = Rgba::white();
    let white2 = Rgba::white();
    let linear_interpolation = Rgba::linear_interpolation(&white1, 1, &white2, 1, 2);
    assert!(linear_interpolation.is_ok());
    assert!(linear_interpolation.unwrap() == Rgba::white());
}

#[test]
fn test_blur_correct_color() {
    let white = Rgba::white();
    let black = Rgba::black();
    let linear_interpolation = Rgba::linear_interpolation(&white, 1, &black, 1, 2);
    let gray = Rgba::rgb(128, 128, 128);
    assert!(linear_interpolation.is_ok());
    assert!(linear_interpolation.unwrap() == gray);
}

#[test]
fn blend_weights_adding_to_one_and_a_half_fail() {
    let r = Rgba::linear_interpolation(&Rgba::white(), 3, &Rgba::black(), 3, 4);
    assert_eq!(r, Err(BitmapError::InvalidBlend));
    let r = Rgba::linear_interpolation(&Rgba::white(), 0, &Rgba::black(), 0, 0);
    assert_eq!(r, Err(BitmapError::InvalidBlend));
}

#[test]
fn blend_rounds_each_channel() {
    let a = Rgba::rgba(10, 20, 30, 40);
    let b = Rgba::rgba(20, 40, 61, 100);
    let r = Rgba::linear_interpolation(&a, 3, &b, 1, 4).unwrap();
    // red (30 + 20) / 4 = 12.5 -> 13, green 25, blue (90 + 61) / 4 = 37.75 -> 38, alpha 55
    assert_eq!(r, Rgba::rgba(13, 25, 38, 55));
}

#[test]
fn alpha_is_clamped_at_construction() {
    assert_eq!(Rgba::rgba(1, 2, 3, 250).get_alpha(), 100);
    assert_eq!(Rgba::bgra(3, 2, 1, 180), Rgba::rgba(1, 2, 3, 100));
    assert_eq!(Rgba::bgr(3, 2, 1), Rgba::rgb(1, 2, 3));
    let c = Rgba::rgba(9, 8, 7, 6);
    assert_eq!((c.get_red(), c.get_green(), c.get_blue(), c.get_alpha()), (9, 8, 7, 6));
}

#[test]
fn black_and_white_are_recognized() {
    assert!(Rgba::black().is_black());
    assert!(!Rgba::black().is_white());
    assert!(Rgba::white().is_white());
    assert!(!Rgba::rgba(0, 0, 0, 50).is_black());
}

#[test]
fn recolor_copies_every_channel() {
    let mut c = Rgba::white();
    c.recolor_to(&Rgba::rgba(1, 2, 3, 4));
    assert_eq!(c, Rgba::rgba(1, 2, 3, 4));
}

#[test]
fn gray_level_is_rounded_luminance() {
    let mut c = Rgba::rgba(100, 150, 200, 30);
    c.color_to_gray();
    // 0.2126 * 100 + 0.7152 * 150 + 0.0722 * 200 = 142.98 -> 143
    assert_eq!(c, Rgba::rgba(143, 143, 143, 30));
    let mut w = Rgba::white();
    w.color_to_gray();
    assert_eq!(w, Rgba::white());
}

#[test]
fn cubic_interpolation_at_zero_is_second_point() {
    let p = [Rgba::rgb(0, 0, 0), Rgba::rgba(10, 20, 30, 40), Rgba::rgb(50, 60, 70), Rgba::white()];
    let r = Rgba::cubic_interpolate(&p[0], &p[1], &p[2], &p[3], 0, 7);
    assert_eq!(r, p[1]);
}

#[test]
fn cubic_interpolation_midpoint_value() {
    let p0 = Rgba::rgb(0, 0, 0);
    let p1 = Rgba::rgb(100, 100, 100);
    let p2 = Rgba::rgb(200, 200, 200);
    let p3 = Rgba::rgb(250, 250, 250);
    // at t = 1/2 the cubic gives (-p0 + 9 p1 + 9 p2 - p3) / 16 per channel:
    // (-0 + 900 + 1800 - 250) / 16 = 153.125 -> 153
    let r = Rgba::cubic_interpolate(&p0, &p1, &p2, &p3, 1, 2);
    assert_eq!(r, Rgba::rgb(153, 153, 153));
}

#[test]
fn cubic_interpolation_clamps_overshoot() {
    let p0 = Rgba::rgb(0, 0, 0);
    let p1 = Rgba::rgb(255, 255, 255);
    let p2 = Rgba::rgb(255, 255, 255);
    let p3 = Rgba::rgb(0, 0, 0);
    // (-0 + 9 * 255 + 9 * 255 - 0) / 16 = 286.875, clamped to 255; alpha stays 100
    let r = Rgba::cubic_interpolate(&p0, &p1, &p2, &p3, 1, 2);
    assert_eq!(r, Rgba::rgb(255, 255, 255));
    let q0 = Rgba::rgb(255, 255, 255);
    let q1 = Rgba::rgb(0, 0, 0);
    let q2 = Rgba::rgb(0, 0, 0);
    let q3 = Rgba::rgb(255, 255, 255);
    let r = Rgba::cubic_interpolate(&q0, &q1, &q2, &q3, 1, 2);
    assert_eq!(r, Rgba::rgb(0, 0, 0));
}
