use raypix::color::{
    Rgb8, i32_add, i32_sub, rgb_add, rgb_div, rgb_mul, rgb_sub, rgb_to_arr, rgb_xyz_mul, u8_add,
    u8_div, u8_mul, u8_sub, u8_to_rgb,
};
use raypix::filters::{add, bright, colorize, downscale, edit_color, pinkize, to_n_val_channels, upscale};
use raypix::fixed::SCALE;
use raypix::img::Raster;
use raypix::xyz::Xyz;
use raypix::ProcessingOption;

fn c(r: u8, g: u8, b: u8) -> Rgb8 {
    Rgb8 { r, g, b }
}

#[test]
fn byte_arithmetic_saturates() {
    assert_eq!(u8_add(200, 100), 255);
    assert_eq!(u8_add(-5, 3), 0);
    assert_eq!(u8_add(100, 55), 155);
    assert_eq!(u8_sub(100, 30), 70);
    assert_eq!(u8_sub(30, 100), 0);
    assert_eq!(i32_add(7, 8), 15);
    assert_eq!(i32_sub(7, 8), -1);
}

#[test]
fn fixed_point_byte_scaling_matches_float_halving() {
    // Scaling by the fixed-point one half agrees with the float product
    // for every byte value.
    for v in 0..=255u8 {
        let expect = (v as f32 * 0.5) as u8;
        assert_eq!(u8_mul(v, SCALE / 2), expect);
    }
    assert_eq!(u8_mul(100, 2 * SCALE), 200);
    assert_eq!(u8_mul(200, 2 * SCALE), 255);
    assert_eq!(u8_div(100, SCALE / 2), 200);
    assert_eq!(u8_div(200, 0), 255);
    assert_eq!(u8_div(0, 0), 0);
}

#[test]
fn color_operations_exact_values() {
    assert_eq!(rgb_add(c(250, 10, 20), c(10, 10, 10)), c(255, 20, 30));
    assert_eq!(rgb_sub(c(250, 10, 20), c(10, 20, 5)), c(240, 0, 15));
    assert_eq!(rgb_mul(c(100, 200, 4), SCALE / 4), c(25, 50, 1));
    assert_eq!(rgb_div(c(100, 200, 4), 2 * SCALE), c(50, 100, 2));
    assert_eq!(
        rgb_xyz_mul(c(100, 100, 100), Xyz { x: SCALE, y: SCALE / 2, z: 2 * SCALE }),
        c(100, 50, 200)
    );
    assert_eq!(u8_to_rgb(9), c(9, 9, 9));
    assert_eq!(rgb_to_arr(c(1, 2, 3)), [1, 2, 3]);
}

#[test]
fn pink_blue_channel_matches_float_rounding() {
    // The pink filter's blue channel is four fifths of the brightest
    // channel; the integer form agrees with the float product for every
    // byte value.
    for v in 0..=255u32 {
        let float_form = (v as f32 * 0.8) as u8;
        let int_form = (v * 4 / 5) as u8;
        assert_eq!(int_form, float_form);
    }
}

fn two_by_two(a: Rgb8, b: Rgb8, d: Rgb8, e: Rgb8) -> Raster {
    let mut img = Raster::new(2, 2);
    img.put_pixel(0, 0, a);
    img.put_pixel(1, 0, b);
    img.put_pixel(0, 1, d);
    img.put_pixel(1, 1, e);
    img
}

#[test]
fn add_filter_saturates_each_pixel() {
    let mut img = two_by_two(c(0, 0, 0), c(250, 1, 2), c(10, 20, 30), c(255, 255, 255));
    add(&mut img, c(10, 10, 10));
    assert_eq!(img.get_pixel(0, 0), c(10, 10, 10));
    assert_eq!(img.get_pixel(1, 0), c(255, 11, 12));
    assert_eq!(img.get_pixel(0, 1), c(20, 30, 40));
    assert_eq!(img.get_pixel(1, 1), c(255, 255, 255));
}

#[test]
fn bright_filter_scales_pixels() {
    let mut img = two_by_two(c(10, 20, 30), c(200, 200, 200), c(0, 0, 0), c(3, 5, 7));
    bright(&mut img, 3 * SCALE / 2);
    assert_eq!(img.get_pixel(0, 0), c(15, 30, 45));
    assert_eq!(img.get_pixel(1, 0), c(255, 255, 255));
    assert_eq!(img.get_pixel(0, 1), c(0, 0, 0));
    assert_eq!(img.get_pixel(1, 1), c(4, 7, 10));
}

#[test]
fn pinkize_filter_recolors() {
    let mut img = two_by_two(c(10, 200, 60), c(0, 0, 0), c(5, 5, 5), c(255, 0, 0));
    pinkize(&mut img);
    assert_eq!(img.get_pixel(0, 0), c(200, 10, 160));
    assert_eq!(img.get_pixel(1, 0), c(0, 0, 0));
    assert_eq!(img.get_pixel(0, 1), c(5, 5, 4));
    assert_eq!(img.get_pixel(1, 1), c(255, 0, 204));
}

#[test]
fn colorize_filter_uses_brightness() {
    let mut img = two_by_two(c(255, 255, 255), c(0, 0, 0), c(255, 0, 0), c(128, 128, 128));
    colorize(&mut img, c(100, 50, 200));
    // Full white has brightness three: channels triple and clamp.
    assert_eq!(img.get_pixel(0, 0), c(255, 150, 255));
    assert_eq!(img.get_pixel(1, 0), c(0, 0, 0));
    // Pure red has brightness one: the chosen color, truncated.
    assert_eq!(img.get_pixel(0, 1), c(100, 50, 200));
}

#[test]
fn quantize_filter_snaps_channels() {
    let mut img = two_by_two(c(255, 100, 3), c(0, 127, 128), c(63, 64, 65), c(200, 201, 202));
    // n = 2 gives steps of 127.
    to_n_val_channels(&mut img, 2);
    assert_eq!(img.get_pixel(0, 0), c(254, 0, 0));
    assert_eq!(img.get_pixel(1, 0), c(0, 127, 127));
    assert_eq!(img.get_pixel(0, 1), c(0, 0, 0));
    assert_eq!(img.get_pixel(1, 1), c(127, 127, 127));
}

#[test]
fn edit_color_replaces_near_colors() {
    let mut img = two_by_two(c(10, 10, 10), c(100, 100, 100), c(13, 9, 8), c(200, 0, 0));
    let pairs = vec![c(10, 10, 10), c(250, 250, 250)];
    edit_color(&mut img, pairs, 4);
    assert_eq!(img.get_pixel(0, 0), c(250, 250, 250));
    assert_eq!(img.get_pixel(1, 0), c(100, 100, 100));
    assert_eq!(img.get_pixel(0, 1), c(250, 250, 250));
    assert_eq!(img.get_pixel(1, 1), c(200, 0, 0));
}

#[test]
fn upscale_repeats_pixels() {
    let img = two_by_two(c(1, 0, 0), c(0, 2, 0), c(0, 0, 3), c(4, 4, 4));
    let big = upscale(img, 2);
    assert_eq!(big.dimensions(), (4, 4));
    assert_eq!(big.get_pixel(0, 0), c(1, 0, 0));
    assert_eq!(big.get_pixel(1, 1), c(1, 0, 0));
    assert_eq!(big.get_pixel(2, 0), c(0, 2, 0));
    assert_eq!(big.get_pixel(3, 1), c(0, 2, 0));
    assert_eq!(big.get_pixel(0, 2), c(0, 0, 3));
    assert_eq!(big.get_pixel(3, 3), c(4, 4, 4));
}

#[test]
fn downscale_samples_grid_points() {
    let mut img = Raster::new(4, 4);
    for y in 0..4u32 {
        for x in 0..4u32 {
            img.put_pixel(x, y, c((10 * x + y) as u8, 0, 0));
        }
    }
    let small = downscale(img, 2);
    assert_eq!(small.dimensions(), (3, 3));
    assert_eq!(small.get_pixel(0, 0), c(0, 0, 0));
    assert_eq!(small.get_pixel(1, 0), c(20, 0, 0));
    assert_eq!(small.get_pixel(0, 1), c(2, 0, 0));
    assert_eq!(small.get_pixel(1, 1), c(22, 0, 0));
    // The spare row and column the output allocates stay black.
    assert_eq!(small.get_pixel(2, 2), c(0, 0, 0));
}

#[test]
fn processing_options_are_distinct() {
    assert!(ProcessingOption::Dithering == ProcessingOption::Dithering);
    assert!(!(ProcessingOption::Dithering == ProcessingOption::Color));
}

#[test]
fn frame_drawing_spares_last_row_and_column() {
    let mut img = Raster::new(4, 4);
    raypix::filters::to_mc_pic(&mut img, 1, c(9, 9, 9));
    // Left and right strips, except the last row.
    assert_eq!(img.get_pixel(0, 0), c(9, 9, 9));
    assert_eq!(img.get_pixel(3, 0), c(9, 9, 9));
    assert_eq!(img.get_pixel(0, 2), c(9, 9, 9));
    assert_eq!(img.get_pixel(3, 3), c(0, 0, 0));
    // Top and bottom strips, except the last column.
    assert_eq!(img.get_pixel(1, 0), c(9, 9, 9));
    assert_eq!(img.get_pixel(1, 3), c(9, 9, 9));
    // The interior stays untouched.
    assert_eq!(img.get_pixel(1, 1), c(0, 0, 0));
    assert_eq!(img.get_pixel(2, 2), c(0, 0, 0));
}

#[test]
fn to_colors_collects_distinct_colors_in_scan_order() {
    let img = two_by_two(c(1, 2, 3), c(4, 5, 6), c(1, 2, 3), c(7, 8, 9));
    let colors = raypix::filters::to_colors(&img);
    assert_eq!(colors, vec![[1, 2, 3], [4, 5, 6], [7, 8, 9]]);
}

#[test]
fn ordered_dithering_snaps_samples_to_palette() {
    // A 2x2 image sampled at full resolution against a black/white
    // palette, with no division and no threshold strength.
    let img = two_by_two(c(10, 10, 10), c(240, 240, 240), c(100, 100, 100), c(200, 200, 200));
    let pal = vec![[0, 0, 0], [255, 255, 255]];
    let mat = [[0u8; 8]; 8];
    let out = raypix::filters::ord_bayer_dithering(&img, pal, mat, 1, SCALE, 0);
    assert_eq!(out.dimensions(), (3, 3));
    assert_eq!(out.get_pixel(0, 0), c(0, 0, 0));
    assert_eq!(out.get_pixel(1, 0), c(255, 255, 255));
    assert_eq!(out.get_pixel(0, 1), c(0, 0, 0));
    assert_eq!(out.get_pixel(1, 1), c(255, 255, 255));
    // The spare row and column stay black.
    assert_eq!(out.get_pixel(2, 2), c(0, 0, 0));
}

#[test]
fn ordered_dithering_threshold_lifts_samples() {
    // A strong threshold from a saturated matrix pushes a mid gray to the
    // bright palette entry.
    let img = two_by_two(c(100, 100, 100), c(100, 100, 100), c(100, 100, 100), c(100, 100, 100));
    let pal = vec![[0, 0, 0], [255, 255, 255]];
    let mat = [[63u8; 8]; 8];
    let out = raypix::filters::ord_bayer_dithering(&img, pal, mat, 1, SCALE, 99 * SCALE);
    assert_eq!(out.get_pixel(0, 0), c(255, 255, 255));
}

#[test]
fn error_diffusion_carries_quantization_error() {
    // A flat gray just below the palette midpoint: the first sample snaps
    // down, its error carries right and lifts the neighbor up.
    let mut img = Raster::new(4, 4);
    for y in 0..4u32 {
        for x in 0..4u32 {
            img.put_pixel(x, y, c(120, 120, 120));
        }
    }
    let pal = vec![[0, 0, 0], [255, 255, 255]];
    let out = raypix::filters::twod_errprop_dithering(&img, pal, 1, SCALE, SCALE);
    assert_eq!(out.dimensions(), (5, 5));
    // First sample of the first processed row: distance 120 to black
    // against 135 to white snaps to black.
    assert_eq!(out.get_pixel(0, 0), c(0, 0, 0));
    // Its +120 error carried twice lifts the neighbor to 360-ish: white.
    assert_eq!(out.get_pixel(1, 0), c(255, 255, 255));
}
