use raypix::color::Rgb8;
use raypix::fixed::SCALE;
use raypix::palette::{closest_color, closest_index, measure_equal, rgb_dist};
use raypix::parse::{get_n_index, get_v_indexes};

fn c(r: u8, g: u8, b: u8) -> Rgb8 {
    Rgb8 { r, g, b }
}

#[test]
fn rgb_dist_exact_values() {
    assert_eq!(rgb_dist([0, 0, 0], [3, 4, 0]), 5);
    assert_eq!(rgb_dist([10, 10, 10], [10, 10, 10]), 0);
    assert_eq!(rgb_dist([255, 0, 0], [0, 0, 0]), 255);
    // Floor of the root, not a rounding.
    assert_eq!(rgb_dist([0, 0, 0], [1, 1, 1]), 1);
    // Far-apart values saturate at the u16 ceiling.
    assert_eq!(rgb_dist([100000, 100000, 100000], [-100000, -100000, -100000]), 65535);
}

#[test]
fn closest_color_picks_nearest_palette_entry() {
    let pal = vec![[0, 0, 0], [255, 255, 255], [200, 0, 0]];
    assert_eq!(closest_color(&pal, [10, 5, 5]), c(0, 0, 0));
    assert_eq!(closest_color(&pal, [240, 240, 240]), c(255, 255, 255));
    assert_eq!(closest_color(&pal, [180, 20, 10]), c(200, 0, 0));
    // Out-of-byte palette entries clamp on the way out.
    let wild = vec![[-40, 300, 7]];
    assert_eq!(closest_color(&wild, [0, 0, 0]), c(0, 255, 7));
}

#[test]
fn measure_equal_tolerates_within_measure() {
    assert!(measure_equal(c(10, 10, 10), c(13, 9, 8), 4));
    assert!(!measure_equal(c(10, 10, 10), c(15, 10, 10), 4));
    assert!(measure_equal(c(7, 7, 7), c(7, 7, 7), 0));
}

#[test]
fn closest_index_picks_nearest_step() {
    // The fixed-point value 2.4 is nearest to index 2.
    assert_eq!(closest_index(10, 2 * SCALE + 2 * SCALE / 5), 2);
    // 2.6 is nearest to index 3.
    assert_eq!(closest_index(10, 2 * SCALE + 3 * SCALE / 5), 3);
    // Values beyond the last index settle on it.
    assert_eq!(closest_index(3, 100 * SCALE), 2);
    assert_eq!(closest_index(5, 0), 0);
}

#[test]
fn face_normal_index_parses_third_field() {
    assert_eq!(get_n_index(String::from("3/5/7")), 7);
    assert_eq!(get_n_index(String::from("12/34/567")), 567);
    // Fewer than two slashes: no third field, the result is zero.
    assert_eq!(get_n_index(String::from("12")), 0);
    assert_eq!(get_n_index(String::from("12/34")), 0);
    // A trailing slash pair with nothing after it is also zero.
    assert_eq!(get_n_index(String::from("12/34/")), 0);
}

#[test]
fn face_vertex_indexes_parse_first_fields() {
    let line = vec![
        String::from("f"),
        String::from("1/2/3"),
        String::from("40/5/6"),
        String::from("700/8/9"),
    ];
    assert_eq!(get_v_indexes(line), vec![1, 40, 700]);
    // Fields without a slash contribute nothing.
    let mixed = vec![String::from("f"), String::from("11"), String::from("2/3")];
    assert_eq!(get_v_indexes(mixed), vec![2]);
    let empty: Vec<String> = Vec::new();
    assert_eq!(get_v_indexes(empty), Vec::<usize>::new());
}
