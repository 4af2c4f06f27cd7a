use pathtracer::color::Color;
use pathtracer::text::push_padded_decimal;
use pathtracer::window::Window;

#[test]
fn pixel_text_pads_each_channel_to_three_columns() {
    assert_eq!(Color::new(255, 7, 42).to_ppm(), "255   7  42");
    assert_eq!(Color::default().to_ppm(), "  0   0   0");
}

#[test]
fn channel_level_zero_maps_to_zero() {
    assert_eq!(Color::clamp_channel(0), 0);
}

#[test]
fn channel_level_of_full_intensity_clamps_to_255() {
    // A gamma-corrected intensity of exactly 1.0 gives the level 256.
    assert_eq!(Color::clamp_channel(256), 255);
    assert_eq!(Color::clamp_channel(255), 255);
    assert_eq!(Color::clamp_channel(i64::MAX), 255);
}

#[test]
fn negative_channel_level_maps_to_zero() {
    assert_eq!(Color::clamp_channel(-1), 0);
    assert_eq!(Color::clamp_channel(i64::MIN), 0);
}

#[test]
fn set_color_clamps_each_channel() {
    let mut c = Color::default();
    c.set_color(128, 300, -4);
    assert_eq!((c.red, c.green, c.blue), (128, 255, 0));
}

#[test]
fn padded_decimal_keeps_long_numbers_whole() {
    let mut s = String::from("x");
    push_padded_decimal(&mut s, 123456, 3);
    assert_eq!(s, "x123456");
    let mut t = String::new();
    push_padded_decimal(&mut t, 0, 4);
    assert_eq!(t, "   0");
}

#[test]
fn new_window_is_black() {
    let w = Window::new(3, 2);
    assert_eq!(w.pixels.len(), 2);
    assert!(w.pixels.iter().all(|row| row.len() == 3));
    assert!(w.pixels.iter().flatten().all(|c| *c == Color::default()));
}

#[test]
fn ppm_lists_rows_from_the_top_down() {
    let mut w = Window::new(2, 2);
    w.pixels[0][0] = Color::new(1, 2, 3);
    w.pixels[1][1] = Color::new(200, 100, 50);
    let expected = "P3\n2 2\n255\n  0   0   0 200 100  50 \n  1   2   3   0   0   0 \n";
    assert_eq!(w.to_ppm(), expected);
}

#[test]
fn empty_window_has_only_the_header() {
    assert_eq!(Window::new(0, 0).to_ppm(), "P3\n0 0\n255\n");
}
